//! Arithmetic on polynomials over the scalar field.
//!
//! A polynomial is its sequence of coefficients, lowest degree first. Trailing
//! zero coefficients are kept as they are.

use vstd::prelude::*;
use crate::error::KzgError;
use crate::field::{
    fadd, fdiv, finv, fmul, fneg, fpow, fsub, is_inverse, lemma_modulus_positive, modulus, Scalar,
};
use vstd::arithmetic::div_mod::lemma_small_mod;
use vstd::slice::slice_subrange;

verus! {

/// The coefficients of a polynomial as natural numbers.
pub open spec fn as_nats(v: Seq<Scalar>) -> Seq<nat> {
    Seq::new(v.len(), |i: int| v[i]@)
}

/// The coefficient of degree `i`, zero beyond the stored ones.
pub open spec fn coeff(p: Seq<nat>, i: int) -> nat {
    if 0 <= i < p.len() {
        p[i]
    } else {
        0
    }
}

/// The polynomial of `n` zero coefficients.
pub open spec fn zeros(n: nat) -> Seq<nat> {
    Seq::new(n, |i: int| 0nat)
}

/// Coefficient-wise sum, as long as the longer operand.
pub open spec fn poly_add(p: Seq<nat>, q: Seq<nat>) -> Seq<nat> {
    Seq::new(
        if p.len() >= q.len() { p.len() } else { q.len() },
        |i: int| fadd(coeff(p, i), coeff(q, i)),
    )
}

/// The sum of `p[i] * q[k - i]` over `i < n`.
pub open spec fn conv(p: Seq<nat>, q: Seq<nat>, k: int, n: nat) -> nat
    decreases n,
{
    if n == 0 {
        0
    } else {
        fadd(conv(p, q, k, (n - 1) as nat), fmul(coeff(p, n - 1), coeff(q, k - (n - 1))))
    }
}

/// The length of a product.
pub open spec fn mul_len(a: nat, b: nat) -> nat {
    if a + b == 0 {
        0
    } else {
        (a + b - 1) as nat
    }
}

/// Discrete convolution of the coefficients.
pub open spec fn poly_mul(p: Seq<nat>, q: Seq<nat>) -> Seq<nat> {
    Seq::new(mul_len(p.len(), q.len()), |k: int| conv(p, q, k, p.len()))
}

/// Every coefficient times `s`.
pub open spec fn poly_scale(p: Seq<nat>, s: nat) -> Seq<nat> {
    Seq::new(p.len(), |i: int| fmul(p[i], s))
}

/// The sum of `p[i] * x^i` over `i < n`.
pub open spec fn eval_upto(p: Seq<nat>, x: nat, n: nat) -> nat
    decreases n,
{
    if n == 0 {
        0
    } else {
        fadd(eval_upto(p, x, (n - 1) as nat), fmul(coeff(p, n - 1), fpow(x, (n - 1) as nat)))
    }
}

/// The value of the polynomial at `x`.
pub open spec fn poly_eval(p: Seq<nat>, x: nat) -> nat {
    eval_upto(p, x, p.len())
}

/// Whether every coefficient is zero.
pub open spec fn is_zero_poly(p: Seq<nat>) -> bool {
    forall|i: int| 0 <= i < p.len() ==> p[i] == 0
}

/// The remainder after `c * x^pos * d` has been taken from it.
pub open spec fn eliminate(rem: Seq<nat>, d: Seq<nat>, c: nat, pos: int) -> Seq<nat> {
    Seq::new(
        rem.len(),
        |k: int|
            if pos <= k < pos + d.len() {
                fsub(rem[k], fmul(d[k - pos], c))
            } else {
                rem[k]
            },
    )
}

/// Long division from a given remainder and quotient: each step divides the
/// remainder's leading coefficient by the denominator's, records the result in
/// the quotient, removes that multiple of the denominator and drops the
/// eliminated leading term.
pub open spec fn long_division(rem: Seq<nat>, d: Seq<nat>, quot: Seq<nat>) -> Seq<nat>
    decreases rem.len(),
{
    if d.len() == 0 || rem.len() < d.len() {
        quot
    } else {
        let c = fdiv(rem.last(), d.last());
        let pos = rem.len() - d.len();
        long_division(eliminate(rem, d, c, pos).drop_last(), d, quot.update(pos, c))
    }
}

/// The remainder that long division leaves, from a given remainder on.
pub open spec fn long_remainder(rem: Seq<nat>, d: Seq<nat>) -> Seq<nat>
    decreases rem.len(),
{
    if d.len() == 0 || rem.len() < d.len() {
        rem
    } else {
        let c = fdiv(rem.last(), d.last());
        let pos = rem.len() - d.len();
        long_remainder(eliminate(rem, d, c, pos).drop_last(), d)
    }
}

/// The number of coefficients up to the last one that is not zero.
pub open spec fn effective_len(p: Seq<nat>) -> nat
    decreases p.len(),
{
    if p.len() == 0 {
        0
    } else if p.last() != 0 {
        p.len()
    } else {
        effective_len(p.drop_last())
    }
}

/// The polynomial without its trailing zero coefficients.
pub open spec fn trimmed(p: Seq<nat>) -> Seq<nat> {
    p.take(effective_len(p) as int)
}

/// Whether a division by `d` is refused: `d` is empty or zero everywhere.
pub open spec fn div_undefined(d: Seq<nat>) -> bool {
    d.len() == 0 || is_zero_poly(d)
}

/// The quotient of `n` by `d`: zero for a shorter numerator, otherwise the
/// long division by `d` up to its last coefficient that is not zero.
pub open spec fn poly_div(n: Seq<nat>, d: Seq<nat>) -> Seq<nat> {
    if n.len() < d.len() {
        seq![0nat]
    } else {
        let t = trimmed(d);
        long_division(n, t, zeros((n.len() - t.len() + 1) as nat))
    }
}

/// The remainder of the division of `n` by `d`: a shorter numerator itself,
/// otherwise what the long division leaves.
pub open spec fn poly_rem(n: Seq<nat>, d: Seq<nat>) -> Seq<nat> {
    if n.len() < d.len() {
        n
    } else {
        long_remainder(n, trimmed(d))
    }
}

/// Whether the points are pairwise different.
pub open spec fn distinct(points: Seq<nat>) -> bool {
    forall|a: int, b: int| 0 <= a < b < points.len() ==> points[a] != points[b]
}

/// The linear polynomial with the single root `z`.
pub open spec fn root_factor(z: nat) -> Seq<nat> {
    seq![fneg(z), 1nat]
}

/// The product of `x - points[j]` over `j < n`, `j != i`.
pub open spec fn basis_numerator(points: Seq<nat>, i: int, n: nat) -> Seq<nat>
    decreases n,
{
    if n == 0 {
        seq![1nat]
    } else if n - 1 == i {
        basis_numerator(points, i, (n - 1) as nat)
    } else {
        poly_mul(basis_numerator(points, i, (n - 1) as nat), root_factor(points[n - 1]))
    }
}

/// The product of `points[i] - points[j]` over `j < n`, `j != i`.
pub open spec fn basis_denominator(points: Seq<nat>, i: int, n: nat) -> nat
    decreases n,
{
    if n == 0 {
        1
    } else if n - 1 == i {
        basis_denominator(points, i, (n - 1) as nat)
    } else {
        fmul(basis_denominator(points, i, (n - 1) as nat), fsub(points[i], points[n - 1]))
    }
}

/// The product of `x - points[j]` over `j < n`, `j != i`.
pub open spec fn basis_value(points: Seq<nat>, i: int, n: nat, x: nat) -> nat
    decreases n,
{
    if n == 0 {
        1
    } else if n - 1 == i {
        basis_value(points, i, (n - 1) as nat, x)
    } else {
        fmul(basis_value(points, i, (n - 1) as nat, x), fsub(x, points[n - 1]))
    }
}

/// Whether the denominator of each of the first `n` basis polynomials has an
/// inverse.
pub open spec fn denominators_invertible(points: Seq<nat>, n: nat) -> bool {
    forall|i: int|
        0 <= i < n ==> is_inverse(
            #[trigger] basis_denominator(points, i, points.len()),
            finv(basis_denominator(points, i, points.len())),
        )
}

/// The `i`-th Lagrange basis polynomial scaled by `vals[i]`.
pub open spec fn lagrange_term(points: Seq<nat>, vals: Seq<nat>, i: int) -> Seq<nat> {
    let num = basis_numerator(points, i, points.len());
    let inv = finv(basis_denominator(points, i, points.len()));
    Seq::new(num.len(), |k: int| fmul(fmul(num[k], vals[i]), inv))
}

/// The sum of the first `n` scaled basis polynomials.
pub open spec fn lagrange_sum(points: Seq<nat>, vals: Seq<nat>, n: nat) -> Seq<nat>
    decreases n,
{
    if n == 0 {
        zeros(points.len())
    } else {
        poly_add(lagrange_sum(points, vals, (n - 1) as nat), lagrange_term(points, vals, n - 1))
    }
}

/// The Lagrange interpolation through `(points[i], vals[i])`.
pub open spec fn poly_interpolate(points: Seq<nat>, vals: Seq<nat>) -> Seq<nat> {
    lagrange_sum(points, vals, points.len())
}

/// The product of `x - points[j]` over `j < n`, starting from the first factor.
pub open spec fn vanishing(points: Seq<nat>, n: nat) -> Seq<nat>
    decreases n,
{
    if n <= 1 {
        root_factor(coeff(points, 0))
    } else {
        poly_mul(vanishing(points, (n - 1) as nat), root_factor(points[n - 1]))
    }
}

/// The length of a basis numerator: one more than its number of factors.
pub proof fn lemma_basis_numerator_len(points: Seq<nat>, i: int, n: nat)
    ensures
        1 <= basis_numerator(points, i, n).len() <= n + 1,
        (i < 0 || i >= n) ==> basis_numerator(points, i, n).len() == n + 1,
        0 <= i < n ==> basis_numerator(points, i, n).len() == n,
    decreases n,
{
    if n > 0 {
        lemma_basis_numerator_len(points, i, (n - 1) as nat);
    }
}

/// The values of a polynomial at each of the points.
pub open spec fn poly_evals(p: Seq<nat>, points: Seq<nat>) -> Seq<nat> {
    Seq::new(points.len(), |i: int| poly_eval(p, points[i]))
}

/// The first `n` coefficients, with zeros where the polynomial has none.
pub open spec fn resized(p: Seq<nat>, n: nat) -> Seq<nat> {
    Seq::new(n, |i: int| coeff(p, i))
}

/// Coefficient-wise difference of two polynomials, as long as the shorter one.
pub open spec fn poly_sub(p: Seq<nat>, q: Seq<nat>) -> Seq<nat> {
    Seq::new(if p.len() <= q.len() { p.len() } else { q.len() }, |i: int| fsub(p[i], q[i]))
}

/// Whether every coefficient is below the modulus.
pub open spec fn all_reduced(p: Seq<nat>) -> bool {
    forall|i: int| 0 <= i < p.len() ==> p[i] < modulus()
}

/// Long division keeps the length of a quotient that has room for every step.
pub proof fn lemma_long_division_len(rem: Seq<nat>, d: Seq<nat>, quot: Seq<nat>)
    requires
        rem.len() < d.len() + quot.len(),
    ensures
        long_division(rem, d, quot).len() == quot.len(),
    decreases rem.len(),
{
    if !(d.len() == 0 || rem.len() < d.len()) {
        let c = fdiv(rem.last(), d.last());
        let pos = rem.len() - d.len();
        lemma_long_division_len(eliminate(rem, d, c, pos).drop_last(), d, quot.update(pos, c));
    }
}

/// The effective length ends at a coefficient that is not zero, with zeros
/// only behind it; it is zero exactly for a polynomial that is zero everywhere.
pub proof fn lemma_effective_len(p: Seq<nat>)
    ensures
        effective_len(p) <= p.len(),
        effective_len(p) == 0 <==> is_zero_poly(p),
        effective_len(p) > 0 ==> p[effective_len(p) - 1] != 0,
        forall|i: int| effective_len(p) <= i < p.len() ==> p[i] == 0,
    decreases p.len(),
{
    if p.len() > 0 && p.last() == 0 {
        let q = p.drop_last();
        lemma_effective_len(q);
        if is_zero_poly(q) {
            assert forall|i: int| 0 <= i < p.len() implies p[i] == 0 by {
                if i < q.len() {
                    assert(q[i] == 0);
                }
            }
        } else {
            let k = effective_len(q) - 1;
            assert(p[k] == q[k]);
        }
        assert forall|i: int| effective_len(p) <= i < p.len() implies p[i] == 0 by {
            if i < q.len() {
                assert(q[i] == 0);
            }
        }
    }
}

/// A polynomial whose last coefficient is not zero is its own trimmed form.
pub proof fn lemma_trimmed_full(p: Seq<nat>)
    requires
        p.len() > 0,
        p.last() != 0,
    ensures
        effective_len(p) == p.len(),
        trimmed(p) == p,
{
    assert(p.take(p.len() as int) =~= p);
}

/// The length of a quotient: one for a shorter numerator, otherwise the
/// numerator's length less the denominator's effective length, plus one.
pub proof fn lemma_poly_div_len(n: Seq<nat>, d: Seq<nat>)
    ensures
        poly_div(n, d).len() == if n.len() < d.len() {
            1
        } else {
            n.len() - effective_len(d) + 1
        },
{
    lemma_effective_len(d);
    if n.len() >= d.len() {
        let t = trimmed(d);
        lemma_long_division_len(n, t, zeros((n.len() - t.len() + 1) as nat));
    }
}

/// In the product with a linear factor, the terms below the last do not reach
/// the leading coefficient.
proof fn lemma_conv_lead_prefix(p: Seq<nat>, f: Seq<nat>, n: nat)
    requires
        f.len() == 2,
        n < p.len(),
    ensures
        conv(p, f, p.len() as int, n) == 0,
    decreases n,
{
    lemma_modulus_positive();
    if n > 0 {
        lemma_conv_lead_prefix(p, f, (n - 1) as nat);
        assert(coeff(f, p.len() - (n - 1)) == 0);
        assert(coeff(p, n - 1) * 0 == 0);
        lemma_small_mod(0, modulus());
    }
}

/// The product of a polynomial with a monic linear factor has the leading
/// coefficient of the polynomial.
pub proof fn lemma_mul_linear_lead(p: Seq<nat>, f: Seq<nat>)
    requires
        p.len() >= 1,
        f.len() == 2,
        f[1] == 1,
        p.last() < modulus(),
    ensures
        poly_mul(p, f).len() == p.len() + 1,
        poly_mul(p, f).last() == p.last(),
{
    let m = p.len();
    lemma_conv_lead_prefix(p, f, (m - 1) as nat);
    assert(coeff(f, m - (m - 1)) == 1);
    assert(p[m - 1] * 1 == p[m - 1]);
    lemma_small_mod(p[m - 1], modulus());
    assert(conv(p, f, m as int, m) == fadd(
        conv(p, f, m as int, (m - 1) as nat),
        fmul(coeff(p, m - 1), coeff(f, m - (m - 1))),
    ));
}

/// The vanishing polynomial of `n` points has `n + 1` coefficients (two for
/// no point) and leading coefficient one.
pub proof fn lemma_vanishing_monic(points: Seq<nat>, n: nat)
    requires
        n <= points.len(),
    ensures
        vanishing(points, n).len() == if n <= 1 {
            2
        } else {
            n + 1
        },
        vanishing(points, n).last() == 1,
    decreases n,
{
    lemma_modulus_positive();
    if n > 1 {
        lemma_vanishing_monic(points, (n - 1) as nat);
        lemma_mul_linear_lead(vanishing(points, (n - 1) as nat), root_factor(points[n - 1]));
    }
}

/// Every partial sum of an interpolation has as many coefficients as there
/// are points.
pub proof fn lemma_interpolate_len(points: Seq<nat>, vals: Seq<nat>, n: nat)
    requires
        n <= points.len(),
    ensures
        lagrange_sum(points, vals, n).len() == points.len(),
    decreases n,
{
    if n > 0 {
        lemma_interpolate_len(points, vals, (n - 1) as nat);
        lemma_basis_numerator_len(points, n - 1, points.len());
    }
}

/// A copy of the coefficients in a vector.
pub fn to_vec(p: &[Scalar]) -> (r: Vec<Scalar>)
    ensures
        r@ == p@,
        all_reduced(as_nats(p@)),
{
    let mut r: Vec<Scalar> = Vec::new();
    let mut i: usize = 0;
    while i < p.len()
        invariant
            i <= p.len(),
            r@ == p@.take(i as int),
            forall|t: int| 0 <= t < i ==> p[t]@ < modulus(),
        decreases p.len() - i,
    {
        let c = p[i];
        proof {
            use_type_invariant(&c);
        }
        r.push(c);
        assert(r@ =~= p@.take(i + 1));
        i += 1;
    }
    assert(p@.take(p.len() as int) =~= p@);
    r
}

/// The coefficient of degree `i`, zero beyond the stored ones.
pub fn coefficient(p: &[Scalar], i: usize) -> (r: Scalar)
    ensures
        r@ == coeff(as_nats(p@), i as int),
{
    if i < p.len() {
        p[i]
    } else {
        Scalar::zero()
    }
}

/// Coefficient-wise sum of two polynomials; the result is as long as the
/// longer one.
pub fn add(p1: &[Scalar], p2: &[Scalar]) -> (r: Vec<Scalar>)
    ensures
        as_nats(r@) == poly_add(as_nats(p1@), as_nats(p2@)),
{
    let n: usize = if p1.len() >= p2.len() { p1.len() } else { p2.len() };
    let mut result: Vec<Scalar> = Vec::new();
    let mut i: usize = 0;
    while i < n
        invariant
            i <= n,
            n == if p1.len() >= p2.len() { p1.len() } else { p2.len() },
            result.len() == i,
            forall|t: int| 0 <= t < i ==> result[t]@ == fadd(
                coeff(as_nats(p1@), t),
                coeff(as_nats(p2@), t),
            ),
        decreases n - i,
    {
        let a = coefficient(p1, i);
        let b = coefficient(p2, i);
        result.push(a.add(&b));
        i += 1;
    }
    assert(as_nats(result@) =~= poly_add(as_nats(p1@), as_nats(p2@)));
    result
}

/// Product of two polynomials by convolution. The result has one coefficient
/// less than the operands have together, and none if both are empty.
pub fn mul(p1: &[Scalar], p2: &[Scalar]) -> (r: Vec<Scalar>)
    requires
        p1.len() + p2.len() <= usize::MAX,
    ensures
        as_nats(r@) == poly_mul(as_nats(p1@), as_nats(p2@)),
{
    let total: usize = p1.len() + p2.len();
    let n: usize = if total == 0 { 0 } else { total - 1 };
    let mut result: Vec<Scalar> = Vec::new();
    let mut k: usize = 0;
    while k < n
        invariant
            k <= n,
            n == mul_len(p1.len() as nat, p2.len() as nat),
            result.len() == k,
            forall|t: int| 0 <= t < k ==> result[t]@ == conv(
                as_nats(p1@),
                as_nats(p2@),
                t,
                p1.len() as nat,
            ),
        decreases n - k,
    {
        let mut acc = Scalar::zero();
        let mut i: usize = 0;
        while i < p1.len()
            invariant
                i <= p1.len(),
                acc@ == conv(as_nats(p1@), as_nats(p2@), k as int, i as nat),
            decreases p1.len() - i,
        {
            let c2 = if i <= k { coefficient(p2, k - i) } else { Scalar::zero() };
            let term = p1[i].mul(&c2);
            acc = acc.add(&term);
            i += 1;
        }
        result.push(acc);
        k += 1;
    }
    assert(as_nats(result@) =~= poly_mul(as_nats(p1@), as_nats(p2@)));
    result
}

/// Every coefficient multiplied by `scalar`.
pub fn scalar_mul(poly: &[Scalar], scalar: Scalar) -> (r: Vec<Scalar>)
    ensures
        as_nats(r@) == poly_scale(as_nats(poly@), scalar@),
{
    let mut result: Vec<Scalar> = Vec::new();
    let mut i: usize = 0;
    while i < poly.len()
        invariant
            i <= poly.len(),
            result.len() == i,
            forall|t: int| 0 <= t < i ==> result[t]@ == fmul(poly[t]@, scalar@),
        decreases poly.len() - i,
    {
        result.push(poly[i].mul(&scalar));
        i += 1;
    }
    assert(as_nats(result@) =~= poly_scale(as_nats(poly@), scalar@));
    result
}

/// The value of the polynomial at `point`: the sum of `poly[i] * point^i`.
pub fn evaluate(poly: &[Scalar], point: Scalar) -> (r: Scalar)
    ensures
        r@ == poly_eval(as_nats(poly@), point@),
{
    let mut value = Scalar::zero();
    let mut i: usize = 0;
    while i < poly.len()
        invariant
            i <= poly.len(),
            value@ == eval_upto(as_nats(poly@), point@, i as nat),
        decreases poly.len() - i,
    {
        let power = point.pow(i as u64);
        let term = poly[i].mul(&power);
        value = value.add(&term);
        i += 1;
    }
    value
}

/// A vector of `n` zero coefficients.
pub fn zero_vec(n: usize) -> (r: Vec<Scalar>)
    ensures
        r.len() == n,
        as_nats(r@) == zeros(n as nat),
{
    let mut r: Vec<Scalar> = Vec::new();
    let mut i: usize = 0;
    while i < n
        invariant
            i <= n,
            r.len() == i,
            forall|t: int| 0 <= t < i ==> r[t]@ == 0,
        decreases n - i,
    {
        r.push(Scalar::zero());
        i += 1;
    }
    assert(as_nats(r@) =~= zeros(n as nat));
    r
}

/// Whether every coefficient is zero.
pub fn is_zero(p: &[Scalar]) -> (b: bool)
    ensures
        b == is_zero_poly(as_nats(p@)),
        all_reduced(as_nats(p@)),
{
    let mut all = true;
    let mut i: usize = 0;
    while i < p.len()
        invariant
            i <= p.len(),
            all == (forall|t: int| 0 <= t < i ==> as_nats(p@)[t] == 0),
            forall|t: int| 0 <= t < i ==> p[t]@ < modulus(),
        decreases p.len() - i,
    {
        let c = p[i];
        proof {
            use_type_invariant(&c);
        }
        if !c.is_zero() {
            assert(as_nats(p@)[i as int] != 0);
            all = false;
        }
        i += 1;
    }
    all
}

/// The number of coefficients up to the last one that is not zero.
pub fn effective_length(p: &[Scalar]) -> (m: usize)
    ensures
        m == effective_len(as_nats(p@)),
{
    let ghost full = as_nats(p@);
    let mut m: usize = p.len();
    let mut found = false;
    assert(full.take(m as int) =~= full);
    while m > 0 && !found
        invariant
            m <= p.len(),
            full == as_nats(p@),
            effective_len(full) == effective_len(full.take(m as int)),
            found ==> m > 0 && full[m - 1] != 0,
        decreases (if found { 0int } else { 1int }) + m,
    {
        if p[m - 1].is_zero() {
            assert(full.take(m as int).drop_last() =~= full.take(m - 1));
            m -= 1;
        } else {
            found = true;
        }
    }
    m
}

/// Long division by a denominator whose leading coefficient has the inverse
/// `inv`: each step divides the remainder's leading coefficient, records the
/// result and removes that multiple of the denominator.
fn long_divide(p1: &[Scalar], d: &[Scalar], inv: Scalar) -> (quotient: Vec<Scalar>)
    requires
        1 <= d.len() <= p1.len(),
        inv@ == finv(as_nats(d@).last()),
    ensures
        as_nats(quotient@) == long_division(
            as_nats(p1@),
            as_nats(d@),
            zeros((p1.len() - d.len() + 1) as nat),
        ),
        all_reduced(as_nats(p1@)),
{
    let ghost den = as_nats(d@);
    let ghost target = long_division(as_nats(p1@), den, zeros((p1.len() - d.len() + 1) as nat));
    let mut quotient = zero_vec(p1.len() - d.len() + 1);
    let mut remainder = to_vec(p1);
    while remainder.len() >= d.len()
        invariant
            d.len() > 0,
            den == as_nats(d@),
            inv@ == finv(den.last()),
            remainder.len() <= p1.len(),
            quotient.len() == p1.len() - d.len() + 1,
            long_division(as_nats(remainder@), den, as_nats(quotient@)) == target,
        decreases remainder.len(),
    {
        let top: usize = remainder.len() - 1;
        let pos: usize = remainder.len() - d.len();
        let c = remainder[top].mul(&inv);
        let ghost before = as_nats(remainder@);
        let ghost quot_before = as_nats(quotient@);
        quotient.set(pos, c);
        assert(as_nats(quotient@) =~= quot_before.update(pos as int, c@));
        let mut i: usize = 0;
        while i < d.len()
            invariant
                i <= d.len(),
                den == as_nats(d@),
                pos + d.len() == remainder.len(),
                remainder.len() == before.len(),
                forall|k: int|
                    0 <= k < remainder.len() ==> remainder[k]@ == if pos <= k < pos + i {
                        fsub(before[k], fmul(den[k - pos], c@))
                    } else {
                        before[k]
                    },
            decreases d.len() - i,
        {
            let part = d[i].mul(&c);
            let next = remainder[pos + i].sub(&part);
            remainder.set(pos + i, next);
            i += 1;
        }
        remainder.pop();
        assert(as_nats(remainder@) =~= eliminate(before, den, c@, pos as int).drop_last());
    }
    quotient
}

/// The quotient of the long division of `p1` by `p2`.
///
/// The division is refused when the denominator is empty or zero everywhere.
/// A shorter numerator gives the one-coefficient zero quotient. Otherwise the
/// denominator is taken up to its last coefficient that is not zero, and the
/// division is exact up to its remainder: the quotient times that denominator
/// plus the remainder is the numerator, and the remainder is shorter than
/// that denominator.
pub fn div(p1: &[Scalar], p2: &[Scalar]) -> (r: Result<Vec<Scalar>, KzgError>)
    ensures
        r is Err <==> div_undefined(as_nats(p2@)),
        r is Err ==> r->Err_0 == KzgError::DivisionByZeroPolynomial,
        r is Ok ==> as_nats(r->Ok_0@) == poly_div(as_nats(p1@), as_nats(p2@)),
        r is Ok && p1.len() >= p2.len() ==> poly_add(
            poly_mul(as_nats(r->Ok_0@), trimmed(as_nats(p2@))),
            poly_rem(as_nats(p1@), as_nats(p2@)),
        ) == as_nats(p1@) && poly_rem(as_nats(p1@), as_nats(p2@)).len() < effective_len(
            as_nats(p2@),
        ),
{
    let ghost n = as_nats(p1@);
    let ghost full = as_nats(p2@);
    if p2.len() == 0 || is_zero(p2) {
        return Err(KzgError::DivisionByZeroPolynomial);
    }
    if p1.len() < p2.len() {
        let mut q: Vec<Scalar> = Vec::new();
        q.push(Scalar::zero());
        assert(as_nats(q@) =~= seq![0nat]);
        return Ok(q);
    }
    let m = effective_length(p2);
    proof {
        lemma_effective_len(full);
    }
    let d = slice_subrange(p2, 0, m);
    assert(as_nats(d@) =~= trimmed(full));
    let inv = match d[m - 1].inverse() {
        Some(x) => x,
        None => {
            return Err(KzgError::DivisionByZeroPolynomial);
        },
    };
    let quotient = long_divide(p1, d, inv);
    proof {
        crate::laws::lemma_division_exact(n, full);
    }
    Ok(quotient)
}

/// Lagrange interpolation: the polynomial with as many coefficients as there
/// are points that takes `vals[i]` at `points[i]`.
///
/// Refused with `InvalidInput` when the numbers of points and values differ,
/// and with `DuplicateEvaluationPoint` when two points coincide. The result
/// takes each given value at its point, and the denominator of each basis
/// polynomial has an inverse.
pub fn interpolate(points: &[Scalar], vals: &[Scalar]) -> (r: Result<Vec<Scalar>, KzgError>)
    requires
        points.len() + 2 <= usize::MAX,
    ensures
        points.len() != vals.len() ==> r == Err::<Vec<Scalar>, KzgError>(KzgError::InvalidInput),
        points.len() == vals.len() && !distinct(as_nats(points@)) ==> r == Err::<
            Vec<Scalar>,
            KzgError,
        >(KzgError::DuplicateEvaluationPoint),
        points.len() == vals.len() && distinct(as_nats(points@)) ==> r is Ok && as_nats(r->Ok_0@)
            == poly_interpolate(as_nats(points@), as_nats(vals@)),
        r is Ok ==> forall|m: int|
            0 <= m < points.len() ==> poly_eval(as_nats(r->Ok_0@), #[trigger] points[m]@)
                == vals[m]@,
        r is Ok ==> denominators_invertible(as_nats(points@), points.len() as nat) && all_reduced(
            as_nats(points@),
        ),
{
    if points.len() != vals.len() {
        return Err(KzgError::InvalidInput);
    }
    let ghost pts = as_nats(points@);
    let ghost vs = as_nats(vals@);
    let len = points.len();
    let mut result = zero_vec(len);
    let mut i: usize = 0;
    while i < len
        invariant
            i <= len,
            len == points.len(),
            len == vals.len(),
            len + 2 <= usize::MAX,
            pts == as_nats(points@),
            vs == as_nats(vals@),
            forall|a: int, b: int| 0 <= a < i && 0 <= b < len && a != b ==> pts[a] != pts[b],
            forall|a: int| 0 <= a < i ==> pts[a] < modulus() && vs[a] < modulus(),
            denominators_invertible(pts, i as nat),
            as_nats(result@) == lagrange_sum(pts, vs, i as nat),
        decreases len - i,
    {
        let point = points[i];
        let value = vals[i];
        proof {
            use_type_invariant(&point);
            use_type_invariant(&value);
        }
        let mut numerator: Vec<Scalar> = Vec::new();
        numerator.push(Scalar::one());
        assert(as_nats(numerator@) =~= seq![1nat]);
        let mut denominator = Scalar::one();
        let mut j: usize = 0;
        while j < len
            invariant
                j <= len,
                i < len,
                len == points.len(),
                len == vals.len(),
                len + 2 <= usize::MAX,
                pts == as_nats(points@),
                forall|b: int| 0 <= b < j && b != i ==> pts[i as int] != pts[b],
                as_nats(numerator@) == basis_numerator(pts, i as int, j as nat),
                denominator@ == basis_denominator(pts, i as int, j as nat),
                denominator@ != 0,
            decreases len - j,
        {
            if i != j {
                let diff = points[i].sub(&points[j]);
                if diff.is_zero() {
                    proof {
                        let a = if i < j { i as int } else { j as int };
                        let b = if i < j { j as int } else { i as int };
                        assert(pts[a] == pts[b]);
                    }
                    return Err(KzgError::DuplicateEvaluationPoint);
                }
                proof {
                    lemma_basis_numerator_len(pts, i as int, j as nat);
                }
                let mut factor: Vec<Scalar> = Vec::new();
                factor.push(points[j].neg());
                factor.push(Scalar::one());
                assert(as_nats(factor@) =~= root_factor(pts[j as int]));
                numerator = self::mul(numerator.as_slice(), factor.as_slice());
                denominator = denominator.mul(&diff);
            }
            j += 1;
        }
        let inv = match denominator.inverse() {
            Some(x) => x,
            None => {
                return Err(KzgError::DuplicateEvaluationPoint);
            },
        };
        let mut term: Vec<Scalar> = Vec::new();
        let mut k: usize = 0;
        while k < numerator.len()
            invariant
                k <= numerator.len(),
                i < len,
                len == vals.len(),
                vs == as_nats(vals@),
                term.len() == k,
                forall|t: int|
                    0 <= t < k ==> term[t]@ == fmul(fmul(numerator[t]@, vs[i as int]), inv@),
            decreases numerator.len() - k,
        {
            let scaled = numerator[k].mul(&vals[i]);
            term.push(scaled.mul(&inv));
            k += 1;
        }
        assert(as_nats(term@) =~= lagrange_term(pts, vs, i as int));
        result = self::add(result.as_slice(), term.as_slice());
        i += 1;
    }
    proof {
        assert(distinct(pts));
        assert forall|m: int| 0 <= m < len implies poly_eval(
            as_nats(result@),
            #[trigger] points[m]@,
        ) == vals[m]@ by {
            crate::laws::lemma_interpolation_fidelity(pts, vs, m);
        }
    }
    Ok(result)
}

/// The vanishing polynomial of the points: the product of `x - points[i]`.
pub fn vanishing_poly(points: &[Scalar]) -> (r: Vec<Scalar>)
    requires
        points.len() >= 1,
        points.len() + 2 <= usize::MAX,
    ensures
        r.len() == points.len() + 1,
        as_nats(r@) == vanishing(as_nats(points@), points.len() as nat),
{
    let ghost pts = as_nats(points@);
    let mut zero_poly: Vec<Scalar> = Vec::new();
    zero_poly.push(points[0].neg());
    zero_poly.push(Scalar::one());
    assert(as_nats(zero_poly@) =~= root_factor(pts[0]));
    let mut i: usize = 1;
    while i < points.len()
        invariant
            1 <= i <= points.len(),
            points.len() + 2 <= usize::MAX,
            pts == as_nats(points@),
            zero_poly.len() == i + 1,
            as_nats(zero_poly@) == vanishing(pts, i as nat),
        decreases points.len() - i,
    {
        let mut factor: Vec<Scalar> = Vec::new();
        factor.push(points[i].neg());
        factor.push(Scalar::one());
        assert(as_nats(factor@) =~= root_factor(pts[i as int]));
        zero_poly = self::mul(zero_poly.as_slice(), factor.as_slice());
        proof {
            lemma_vanishing_monic(pts, (i + 1) as nat);
            assert(as_nats(zero_poly@).len() == zero_poly.len());
        }
        i += 1;
    }
    zero_poly
}

/// The values of the polynomial at each of the points, in their order.
pub fn evaluate_all(poly: &[Scalar], points: &[Scalar]) -> (r: Vec<Scalar>)
    ensures
        r.len() == points.len(),
        as_nats(r@) == poly_evals(as_nats(poly@), as_nats(points@)),
{
    let mut r: Vec<Scalar> = Vec::new();
    let mut i: usize = 0;
    while i < points.len()
        invariant
            i <= points.len(),
            r.len() == i,
            forall|t: int| 0 <= t < i ==> r[t]@ == poly_eval(as_nats(poly@), points[t]@),
        decreases points.len() - i,
    {
        r.push(evaluate(poly, points[i]));
        i += 1;
    }
    assert(as_nats(r@) =~= poly_evals(as_nats(poly@), as_nats(points@)));
    r
}

/// The first `n` coefficients of the polynomial, padded with zeros.
pub fn resize(p: &[Scalar], n: usize) -> (r: Vec<Scalar>)
    ensures
        r.len() == n,
        as_nats(r@) == resized(as_nats(p@), n as nat),
{
    let mut r: Vec<Scalar> = Vec::new();
    let mut i: usize = 0;
    while i < n
        invariant
            i <= n,
            r.len() == i,
            forall|t: int| 0 <= t < i ==> r[t]@ == coeff(as_nats(p@), t),
        decreases n - i,
    {
        r.push(coefficient(p, i));
        i += 1;
    }
    assert(as_nats(r@) =~= resized(as_nats(p@), n as nat));
    r
}

/// Coefficient-wise difference of two polynomials, as long as the shorter one.
pub fn sub(p1: &[Scalar], p2: &[Scalar]) -> (r: Vec<Scalar>)
    ensures
        as_nats(r@) == poly_sub(as_nats(p1@), as_nats(p2@)),
        p1.len() <= p2.len() ==> all_reduced(as_nats(p1@)),
{
    let n: usize = if p1.len() <= p2.len() { p1.len() } else { p2.len() };
    let mut r: Vec<Scalar> = Vec::new();
    let mut i: usize = 0;
    while i < n
        invariant
            i <= n,
            n <= p1.len(),
            n <= p2.len(),
            r.len() == i,
            forall|t: int| 0 <= t < i ==> r[t]@ == fsub(p1[t]@, p2[t]@),
            forall|t: int| 0 <= t < i ==> p1[t]@ < modulus(),
        decreases n - i,
    {
        let c = p1[i];
        proof {
            use_type_invariant(&c);
        }
        r.push(c.sub(&p2[i]));
        i += 1;
    }
    assert(as_nats(r@) =~= poly_sub(as_nats(p1@), as_nats(p2@)));
    r
}

} // verus!
