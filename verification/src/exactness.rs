//! Counting roots: why an interpolation is unique and why the division that
//! a multi-point opening makes leaves no remainder.

use vstd::prelude::*;
use vstd::arithmetic::div_mod::lemma_small_mod;
use crate::evaluation::{
    lemma_conv_reduced, lemma_eval_add, lemma_eval_linear, lemma_eval_mul, lemma_eval_reduced,
    lemma_eval_resized, lemma_eval_sub,
};
use crate::field::{
    fadd, fdiv, finv, fmul, fsub, is_inverse, lemma_cancel, lemma_modulus_positive,
    lemma_mul_assoc, lemma_mul_swap, lemma_reduced, lemma_sub_zero, lemma_zero, modulus,
};
use crate::kzg::lagrange_of;
use crate::laws::{
    lemma_constant_eval, lemma_conv_zeros, lemma_division_exact, lemma_interpolation_fidelity,
    lemma_inverse_of_one, lemma_remainder_at_root,
};
use crate::poly::{
    all_reduced, basis_denominator, coeff, conv, denominators_invertible, eliminate,
    is_zero_poly, lagrange_sum, lagrange_term, lemma_interpolate_len, lemma_trimmed_full,
    lemma_vanishing_monic, long_division, poly_add, poly_div, poly_eval, poly_evals,
    poly_interpolate, poly_mul, poly_rem, poly_sub, resized, root_factor, vanishing, zeros,
};

verus! {

/// Whether the difference of every two of the points has an inverse.
pub open spec fn pairwise_invertible(points: Seq<nat>) -> bool {
    forall|i: int, j: int|
        0 <= i < points.len() && 0 <= j < points.len() && i != j ==> is_inverse(
            #[trigger] fsub(points[i], points[j]),
            finv(fsub(points[i], points[j])),
        )
}

/// The product of `points[i] - points[m]` over `m < n`, `m != i`, `m != j`.
pub open spec fn denominator_without(points: Seq<nat>, i: int, j: int, n: nat) -> nat
    decreases n,
{
    if n == 0 {
        1
    } else if n - 1 == i || n - 1 == j {
        denominator_without(points, i, j, (n - 1) as nat)
    } else {
        fmul(denominator_without(points, i, j, (n - 1) as nat), fsub(points[i], points[n - 1]))
    }
}

/// A basis denominator is the product of one of its factors with the rest.
pub proof fn lemma_denominator_factor(points: Seq<nat>, i: int, j: int, n: nat)
    requires
        0 <= i < points.len(),
        0 <= j < points.len(),
        i != j,
        n <= points.len(),
    ensures
        basis_denominator(points, i, n) == if n <= j {
            denominator_without(points, i, j, n)
        } else {
            fmul(denominator_without(points, i, j, n), fsub(points[i], points[j]))
        },
    decreases n,
{
    if n > 0 {
        let m = n - 1;
        lemma_denominator_factor(points, i, j, m as nat);
        if m != i && m > j {
            lemma_mul_swap(
                denominator_without(points, i, j, m as nat),
                fsub(points[i], points[j]),
                fsub(points[i], points[m]),
            );
        }
    }
}

/// Where a basis denominator has an inverse, so has each of its factors.
pub proof fn lemma_difference_invertible(points: Seq<nat>, i: int, j: int)
    requires
        0 <= i < points.len(),
        0 <= j < points.len(),
        i != j,
        is_inverse(
            basis_denominator(points, i, points.len()),
            finv(basis_denominator(points, i, points.len())),
        ),
    ensures
        is_inverse(fsub(points[i], points[j]), finv(fsub(points[i], points[j]))),
{
    let den = basis_denominator(points, i, points.len());
    let rest = denominator_without(points, i, j, points.len());
    let f = fsub(points[i], points[j]);
    let inv = finv(den);
    lemma_denominator_factor(points, i, j, points.len());
    lemma_mul_swap(rest, f, inv);
    lemma_mul_assoc(rest, inv, f);
    let y = fmul(rest, inv);
    assert(fmul(y, f) == 1);
    assert(y * f == f * y) by (nonlinear_arith);
    lemma_reduced(rest, inv);
    assert(is_inverse(f, y));
}

/// Long division keeps a reduced quotient reduced.
pub proof fn lemma_long_division_reduced(rem: Seq<nat>, d: Seq<nat>, quot: Seq<nat>)
    requires
        all_reduced(quot),
        rem.len() < d.len() + quot.len(),
    ensures
        all_reduced(long_division(rem, d, quot)),
    decreases rem.len(),
{
    if !(d.len() == 0 || rem.len() < d.len()) {
        let c = fdiv(rem.last(), d.last());
        let pos = rem.len() - d.len();
        lemma_reduced(rem.last(), finv(d.last()));
        lemma_long_division_reduced(eliminate(rem, d, c, pos).drop_last(), d, quot.update(pos, c));
    }
}

/// A polynomial with no more coefficients than it has roots among points
/// with invertible differences is zero.
pub proof fn lemma_roots_force_zero(r: Seq<nat>, points: Seq<nat>, n: nat)
    requires
        all_reduced(r),
        all_reduced(points),
        r.len() <= n <= points.len(),
        pairwise_invertible(points),
        forall|i: int| 0 <= i < n ==> poly_eval(r, #[trigger] points[i]) == 0,
    ensures
        is_zero_poly(r),
    decreases n,
{
    lemma_modulus_positive();
    if r.len() == 1 {
        lemma_constant_eval(r, points[0]);
        assert(poly_eval(r, points[0]) == 0);
    } else if r.len() >= 2 {
        let z = points[n - 1];
        let d = root_factor(z);
        lemma_inverse_of_one();
        lemma_reduced(z, z);
        assert(all_reduced(d));
        lemma_trimmed_full(d);
        assert(poly_eval(r, points[n - 1]) == 0);
        lemma_division_exact(r, d);
        lemma_remainder_at_root(r, z);
        let q = poly_div(r, d);
        let rem = poly_rem(r, d);
        assert(rem[0] == 0);
        lemma_long_division_reduced(r, d, zeros((r.len() - d.len() + 1) as nat));
        assert forall|i: int| 0 <= i < n - 1 implies poly_eval(q, #[trigger] points[i]) == 0 by {
            let x = points[i];
            assert(poly_eval(r, points[i]) == 0);
            lemma_eval_add(poly_mul(q, d), rem, x);
            lemma_eval_linear(q, z, x);
            lemma_constant_eval(rem, x);
            let e = poly_eval(q, x);
            lemma_reduced(e, fsub(x, z));
            lemma_zero(fmul(e, fsub(x, z)));
            lemma_eval_reduced(q, x, q.len());
            assert(is_inverse(fsub(points[i], points[n - 1]), finv(fsub(points[i], points[n - 1]))));
            lemma_cancel(e, fsub(x, z));
        }
        lemma_roots_force_zero(q, points, (n - 1) as nat);
        assert(q =~= zeros(q.len()));
        assert forall|k: int| 0 <= k < r.len() implies r[k] == 0 by {
            lemma_conv_zeros(q.len(), d, k, q.len());
            assert(poly_add(poly_mul(q, d), rem)[k] == fadd(
                coeff(poly_mul(q, d), k),
                coeff(rem, k),
            ));
            lemma_zero(0);
        }
    }
}

/// Each of the points is a root of their vanishing polynomial.
pub proof fn lemma_vanishing_root(points: Seq<nat>, n: nat, i: int)
    requires
        all_reduced(points),
        0 <= i < n <= points.len(),
    ensures
        poly_eval(vanishing(points, n), points[i]) == 0,
    decreases n,
{
    let x = points[i];
    lemma_modulus_positive();
    if n <= 1 {
        let s = points[0];
        let one = seq![1nat];
        lemma_reduced(s, s);
        assert(poly_mul(one, root_factor(s)) =~= root_factor(s)) by {
            let f = root_factor(s);
            assert forall|k: int| 0 <= k < 2 implies #[trigger] poly_mul(one, f)[k] == f[k] by {
                assert(f[k] < modulus());
                assert(poly_mul(one, f)[k] == conv(one, f, k, 1));
                assert(conv(one, f, k, 1) == fadd(
                    conv(one, f, k, 0),
                    fmul(coeff(one, 0), coeff(f, k - 0)),
                ));
                assert(1 * f[k] == f[k]);
                lemma_small_mod(f[k], modulus());
                lemma_zero(f[k]);
            }
        }
        lemma_eval_linear(one, s, x);
        lemma_sub_zero(s, s);
        lemma_zero(poly_eval(one, x));
    } else {
        let before = vanishing(points, (n - 1) as nat);
        lemma_vanishing_monic(points, (n - 1) as nat);
        lemma_eval_linear(before, points[n - 1], x);
        if i == n - 1 {
            lemma_sub_zero(x, x);
            lemma_zero(poly_eval(before, x));
        } else {
            lemma_vanishing_root(points, (n - 1) as nat, i);
            lemma_zero(fsub(x, points[n - 1]));
        }
    }
}

/// The division that a multi-point opening makes is exact: the polynomial
/// less its interpolation through the points leaves the remainder zero when
/// divided by the vanishing polynomial of the points.
pub proof fn lemma_multi_open_exact(p: Seq<nat>, points: Seq<nat>)
    requires
        all_reduced(p),
        all_reduced(points),
        points.len() >= 1,
        denominators_invertible(points, points.len()),
    ensures
        is_zero_poly(
            poly_rem(poly_sub(p, lagrange_of(p, points)), vanishing(points, points.len())),
        ),
{
    let k = points.len();
    let vals = poly_evals(p, points);
    let l = poly_interpolate(points, vals);
    let lag = lagrange_of(p, points);
    let n = poly_sub(p, lag);
    let z = vanishing(points, k);
    lemma_modulus_positive();
    lemma_vanishing_monic(points, k);
    lemma_interpolate_len(points, vals, k);
    assert forall|i: int| 0 <= i < k implies vals[i] < modulus() by {
        lemma_eval_reduced(p, points[i], p.len());
    }
    assert forall|i: int, j: int| 0 <= i < k && 0 <= j < k && i != j implies is_inverse(
        #[trigger] fsub(points[i], points[j]),
        finv(fsub(points[i], points[j])),
    ) by {
        assert(is_inverse(
            basis_denominator(points, i, points.len()),
            finv(basis_denominator(points, i, points.len())),
        ));
        lemma_difference_invertible(points, i, j);
    }
    assert forall|i: int| 0 <= i < l.len() implies l[i] < modulus() by {
        let before = lagrange_sum(points, vals, (k - 1) as nat);
        let term = lagrange_term(points, vals, k - 1);
        lemma_reduced(coeff(before, i), coeff(term, i));
    }
    assert forall|i: int| 0 <= i < k implies poly_eval(l, #[trigger] points[i]) == poly_eval(
        p,
        points[i],
    ) by {
        lemma_interpolation_fidelity(points, vals, i);
    }
    if p.len() < z.len() {
        let padded = resized(p, k);
        let diff = poly_sub(padded, l);
        assert forall|i: int| 0 <= i < diff.len() implies diff[i] < modulus() by {
            lemma_reduced(padded[i], l[i]);
        }
        assert forall|i: int| 0 <= i < k implies poly_eval(diff, #[trigger] points[i]) == 0 by {
            let x = points[i];
            lemma_eval_sub(padded, l, x);
            lemma_eval_resized(p, k, x);
            lemma_eval_reduced(p, x, p.len());
            lemma_sub_zero(poly_eval(p, x), poly_eval(p, x));
        }
        lemma_roots_force_zero(diff, points, k);
        assert forall|i: int| 0 <= i < n.len() implies n[i] == 0 by {
            assert(diff[i] == 0);
            lemma_sub_zero(p[i], l[i]);
            lemma_sub_zero(p[i], p[i]);
        }
    } else {
        lemma_inverse_of_one();
        lemma_trimmed_full(z);
        assert forall|i: int| 0 <= i < z.len() implies z[i] < modulus() by {
            if k <= 1 {
                lemma_reduced(points[0], points[0]);
            } else {
                lemma_conv_reduced(
                    vanishing(points, (k - 1) as nat),
                    root_factor(points[k - 1]),
                    i,
                    vanishing(points, (k - 1) as nat).len(),
                );
            }
        }
        assert forall|i: int| 0 <= i < n.len() implies n[i] < modulus() by {
            lemma_reduced(p[i], lag[i]);
        }
        lemma_division_exact(n, z);
        let q = poly_div(n, z);
        let r = poly_rem(n, z);
        assert forall|i: int| 0 <= i < k implies poly_eval(r, #[trigger] points[i]) == 0 by {
            let x = points[i];
            lemma_eval_add(poly_mul(q, z), r, x);
            lemma_eval_mul(q, z, x);
            lemma_vanishing_root(points, k, i);
            lemma_zero(poly_eval(q, x));
            lemma_eval_sub(p, lag, x);
            lemma_eval_resized(l, p.len(), x);
            lemma_eval_reduced(p, x, p.len());
            lemma_sub_zero(poly_eval(p, x), poly_eval(p, x));
            lemma_eval_reduced(r, x, r.len());
            lemma_zero(poly_eval(r, x));
        }
        lemma_roots_force_zero(r, points, k);
    }
}

/// Interpolation is unique: a polynomial with as many coefficients as there
/// are points that takes the given values at them is their interpolation.
pub proof fn lemma_interpolation_unique(points: Seq<nat>, vals: Seq<nat>, r: Seq<nat>)
    requires
        all_reduced(points),
        all_reduced(vals),
        all_reduced(r),
        points.len() == vals.len(),
        r.len() == points.len(),
        denominators_invertible(points, points.len()),
        forall|i: int| 0 <= i < points.len() ==> poly_eval(r, #[trigger] points[i]) == vals[i],
    ensures
        r == poly_interpolate(points, vals),
{
    let k = points.len();
    let l = poly_interpolate(points, vals);
    lemma_modulus_positive();
    lemma_interpolate_len(points, vals, k);
    if k > 0 {
        assert forall|i: int, j: int| 0 <= i < k && 0 <= j < k && i != j implies is_inverse(
            #[trigger] fsub(points[i], points[j]),
            finv(fsub(points[i], points[j])),
        ) by {
            assert(is_inverse(
                basis_denominator(points, i, points.len()),
                finv(basis_denominator(points, i, points.len())),
            ));
            lemma_difference_invertible(points, i, j);
        }
        assert forall|i: int| 0 <= i < l.len() implies l[i] < modulus() by {
            let before = lagrange_sum(points, vals, (k - 1) as nat);
            let term = lagrange_term(points, vals, k - 1);
            lemma_reduced(coeff(before, i), coeff(term, i));
        }
        let diff = poly_sub(r, l);
        assert forall|i: int| 0 <= i < diff.len() implies diff[i] < modulus() by {
            lemma_reduced(r[i], l[i]);
        }
        assert forall|i: int| 0 <= i < k implies poly_eval(diff, #[trigger] points[i]) == 0 by {
            lemma_eval_sub(r, l, points[i]);
            lemma_interpolation_fidelity(points, vals, i);
            lemma_sub_zero(vals[i], vals[i]);
        }
        lemma_roots_force_zero(diff, points, k);
        assert forall|i: int| 0 <= i < k implies r[i] == l[i] by {
            assert(diff[i] == 0);
            lemma_sub_zero(r[i], l[i]);
        }
    }
    assert(r =~= l);
}

} // verus!
