//! The commitment scheme: reference string, commitments, openings and their
//! verification.

use vstd::prelude::*;
use crate::error::KzgError;
use crate::field::{fpow, fsub, lemma_modulus_positive, Scalar};
use crate::group::{
    g1_difference, g1_multiple, g1_sum, g2_difference, g2_multiple, g2_sum, pairing,
    pairing_value, G1Point, G2Point,
};
use crate::exactness::lemma_multi_open_exact;
use crate::laws::lemma_open_exact;
use crate::poly::{
    all_reduced, as_nats, denominators_invertible, distinct, div, evaluate, evaluate_all,
    interpolate, is_zero_poly, lemma_poly_div_len, lemma_trimmed_full, lemma_vanishing_monic,
    poly_div, poly_eval, poly_evals, poly_interpolate, poly_rem, poly_sub, resize, resized,
    root_factor, to_vec, vanishing, vanishing_poly,
};

verus! {

/// The encodings of a sequence of G1 elements.
pub open spec fn g1_views(v: Seq<G1Point>) -> Seq<Seq<u8>> {
    Seq::new(v.len(), |i: int| v[i]@)
}

/// The encodings of a sequence of G2 elements.
pub open spec fn g2_views(v: Seq<G2Point>) -> Seq<Seq<u8>> {
    Seq::new(v.len(), |i: int| v[i]@)
}

/// The sum of `bases[i] * coeffs[i]` over `i < n`, added in that order to
/// `origin`.
pub open spec fn g1_combine(origin: Seq<u8>, bases: Seq<Seq<u8>>, coeffs: Seq<nat>, n: nat) -> Seq<
    u8,
>
    decreases n,
{
    if n == 0 {
        origin
    } else {
        g1_sum(
            g1_combine(origin, bases, coeffs, (n - 1) as nat),
            g1_multiple(bases[n - 1], coeffs[n - 1]),
        )
    }
}

/// The sum of `bases[i] * coeffs[i]` over `i < n`, added in that order to
/// `origin`.
pub open spec fn g2_combine(origin: Seq<u8>, bases: Seq<Seq<u8>>, coeffs: Seq<nat>, n: nat) -> Seq<
    u8,
>
    decreases n,
{
    if n == 0 {
        origin
    } else {
        g2_sum(
            g2_combine(origin, bases, coeffs, (n - 1) as nat),
            g2_multiple(bases[n - 1], coeffs[n - 1]),
        )
    }
}

/// The multiples of `g` by the powers `secret^0 .. secret^(n-1)`.
pub open spec fn g1_powers(g: Seq<u8>, secret: nat, n: nat) -> Seq<Seq<u8>> {
    Seq::new(n, |i: int| g1_multiple(g, fpow(secret, i as nat)))
}

/// The multiples of `g` by the powers `secret^0 .. secret^(n-1)`.
pub open spec fn g2_powers(g: Seq<u8>, secret: nat, n: nat) -> Seq<Seq<u8>> {
    Seq::new(n, |i: int| g2_multiple(g, fpow(secret, i as nat)))
}

/// The numerator of a single-point opening: the polynomial with the value at
/// `z` taken from its constant term.
pub open spec fn open_numerator(p: Seq<nat>, z: nat) -> Seq<nat> {
    if p.len() == 0 {
        p
    } else {
        p.update(0, fsub(p[0], poly_eval(p, z)))
    }
}

/// The quotient that a single-point opening commits to.
pub open spec fn open_quotient(p: Seq<nat>, z: nat) -> Seq<nat> {
    poly_div(open_numerator(p, z), root_factor(z))
}

/// The interpolation through the polynomial's values at the points, cut or
/// padded to the polynomial's length.
pub open spec fn lagrange_of(p: Seq<nat>, points: Seq<nat>) -> Seq<nat> {
    resized(poly_interpolate(points, poly_evals(p, points)), p.len())
}

/// The quotient that a multi-point opening commits to.
pub open spec fn multi_open_quotient(p: Seq<nat>, points: Seq<nat>) -> Seq<nat> {
    poly_div(poly_sub(p, lagrange_of(p, points)), vanishing(points, points.len()))
}

/// The sum of `bases[i] * coeffs[i]` over all coefficients, starting from the
/// zero multiple of `origin`.
pub fn combine_g1(origin: &G1Point, bases: &Vec<G1Point>, coeffs: &[Scalar]) -> (r: G1Point)
    requires
        coeffs.len() <= bases.len(),
    ensures
        r@ == g1_combine(
            g1_multiple(origin@, 0),
            g1_views(bases@),
            as_nats(coeffs@),
            coeffs.len() as nat,
        ),
{
    let mut acc = origin.scale(&Scalar::zero());
    let mut i: usize = 0;
    while i < coeffs.len()
        invariant
            i <= coeffs.len(),
            coeffs.len() <= bases.len(),
            acc@ == g1_combine(
                g1_multiple(origin@, 0),
                g1_views(bases@),
                as_nats(coeffs@),
                i as nat,
            ),
        decreases coeffs.len() - i,
    {
        let term = bases[i].scale(&coeffs[i]);
        acc = acc.add(&term);
        i += 1;
    }
    acc
}

/// The sum of `bases[i] * coeffs[i]` over all coefficients, starting from the
/// zero multiple of `origin`.
pub fn combine_g2(origin: &G2Point, bases: &Vec<G2Point>, coeffs: &[Scalar]) -> (r: G2Point)
    requires
        coeffs.len() <= bases.len(),
    ensures
        r@ == g2_combine(
            g2_multiple(origin@, 0),
            g2_views(bases@),
            as_nats(coeffs@),
            coeffs.len() as nat,
        ),
{
    let mut acc = origin.scale(&Scalar::zero());
    let mut i: usize = 0;
    while i < coeffs.len()
        invariant
            i <= coeffs.len(),
            coeffs.len() <= bases.len(),
            acc@ == g2_combine(
                g2_multiple(origin@, 0),
                g2_views(bases@),
                as_nats(coeffs@),
                i as nat,
            ),
        decreases coeffs.len() - i,
    {
        let term = bases[i].scale(&coeffs[i]);
        acc = acc.add(&term);
        i += 1;
    }
    acc
}

/// A reference string with the generators it was derived from.
pub struct KZG {
    /// The generator of the first group.
    pub g1: G1Point,
    /// The generator of the second group.
    pub g2: G2Point,
    /// The second generator times the secret.
    pub g2_tau: G2Point,
    /// The highest degree that can be committed to.
    pub degree: usize,
    /// The first generator times the powers of the secret.
    pub crs_g1: Vec<G1Point>,
    /// The second generator times the powers of the secret.
    pub crs_g2: Vec<G2Point>,
}

impl KZG {
    /// The number of coefficients that the reference string can take: one more
    /// than the degree, as far as both sequences of powers reach.
    pub open spec fn limit(&self) -> nat {
        let a = (self.degree + 1) as nat;
        let b = if self.crs_g1.len() <= a { self.crs_g1.len() as nat } else { a };
        if self.crs_g2.len() <= b { self.crs_g2.len() as nat } else { b }
    }

    /// The zero multiple of the first generator.
    pub open spec fn g1_origin(&self) -> Seq<u8> {
        g1_multiple(self.g1@, 0)
    }

    /// The zero multiple of the second generator.
    pub open spec fn g2_origin(&self) -> Seq<u8> {
        g2_multiple(self.g2@, 0)
    }

    /// The commitment to the coefficients `c` under this reference string.
    pub open spec fn g1_commitment(&self, c: Seq<nat>) -> Seq<u8> {
        g1_combine(self.g1_origin(), g1_views(self.crs_g1@), c, c.len())
    }

    /// The commitment to the coefficients `c` in the second group.
    pub open spec fn g2_commitment(&self, c: Seq<nat>) -> Seq<u8> {
        g2_combine(self.g2_origin(), g2_views(self.crs_g2@), c, c.len())
    }

    /// Whether the reference string holds exactly the powers of `secret` up to
    /// the degree, in both groups.
    pub open spec fn is_setup_of(&self, secret: nat) -> bool {
        &&& g1_views(self.crs_g1@) == g1_powers(self.g1@, secret, (self.degree + 1) as nat)
        &&& g2_views(self.crs_g2@) == g2_powers(self.g2@, secret, (self.degree + 1) as nat)
        &&& self.g2_tau@ == g2_multiple(self.g2@, secret)
    }

    /// Why an opening of `poly` is refused, if it is.
    pub open spec fn open_refusal(&self, poly: Seq<nat>) -> Option<KzgError> {
        if poly.len() > self.limit() || self.limit() == 0 {
            Some(KzgError::InvalidInput)
        } else {
            None
        }
    }

    /// Why a multi-point opening of `poly` at `points` is refused, if it is.
    pub open spec fn multi_open_refusal(&self, poly: Seq<nat>, points: Seq<nat>) -> Option<
        KzgError,
    > {
        if points.len() == 0 || poly.len() > self.limit() || self.limit() == 0 {
            Some(KzgError::InvalidInput)
        } else if !distinct(points) {
            Some(KzgError::DuplicateEvaluationPoint)
        } else {
            None
        }
    }

    /// Why a multi-point verification is refused, if it is.
    pub open spec fn verify_multi_refusal(&self, points: Seq<nat>, vals: Seq<nat>) -> Option<
        KzgError,
    > {
        if points.len() == 0 || points.len() != vals.len() || points.len() + 1 > self.limit() {
            Some(KzgError::InvalidInput)
        } else if !distinct(points) {
            Some(KzgError::DuplicateEvaluationPoint)
        } else {
            None
        }
    }

    /// The equation that a single-point verification tests.
    pub open spec fn verify_equation(
        &self,
        point: nat,
        value: nat,
        commitment: Seq<u8>,
        pi: Seq<u8>,
    ) -> bool {
        pairing_value(pi, g2_difference(self.g2_tau@, g2_multiple(self.g2@, point)))
            == pairing_value(g1_difference(commitment, g1_multiple(self.g1@, value)), self.g2@)
    }

    /// The equation that a multi-point verification tests.
    pub open spec fn verify_multi_equation(
        &self,
        points: Seq<nat>,
        vals: Seq<nat>,
        commitment: Seq<u8>,
        pi: Seq<u8>,
    ) -> bool {
        pairing_value(pi, self.g2_commitment(vanishing(points, points.len()))) == pairing_value(
            g1_difference(commitment, self.g1_commitment(poly_interpolate(points, vals))),
            self.g2@,
        )
    }

    /// An instance for the given generators and degree bound, with an empty
    /// reference string.
    pub fn new(g1: G1Point, g2: G2Point, degree: usize) -> (r: KZG)
        ensures
            r.g1@ == g1@,
            r.g2@ == g2@,
            r.g2_tau@ == g2_multiple(g2@, 0),
            r.degree == degree,
            r.crs_g1@.len() == 0,
            r.crs_g2@.len() == 0,
    {
        let g2_tau = g2.scale(&Scalar::zero());
        KZG { g1, g2, g2_tau, degree, crs_g1: Vec::new(), crs_g2: Vec::new() }
    }

    /// The number of coefficients that the reference string can take.
    pub fn capacity(&self) -> (r: usize)
        ensures
            r == self.limit(),
    {
        let a: usize = if self.degree < usize::MAX { self.degree + 1 } else { usize::MAX };
        let b: usize = if self.crs_g1.len() <= a { self.crs_g1.len() } else { a };
        if self.crs_g2.len() <= b {
            self.crs_g2.len()
        } else {
            b
        }
    }

    /// Replaces the reference string by the generators' multiples by
    /// `secret^0 ..= secret^degree` and records the second generator times the
    /// secret. Whatever an earlier setup left is discarded.
    pub fn setup(&mut self, secret: Scalar)
        requires
            old(self).degree < usize::MAX,
        ensures
            final(self).g1@ == old(self).g1@,
            final(self).g2@ == old(self).g2@,
            final(self).degree == old(self).degree,
            final(self).is_setup_of(secret@),
            final(self).crs_g1@.len() == old(self).degree + 1,
            final(self).crs_g2@.len() == old(self).degree + 1,
            final(self).limit() == old(self).degree + 1,
    {
        let ghost g1v = self.g1@;
        let ghost g2v = self.g2@;
        let count: usize = self.degree + 1;
        self.crs_g1 = Vec::new();
        self.crs_g2 = Vec::new();
        assert(g1_views(self.crs_g1@) =~= g1_powers(g1v, secret@, 0));
        assert(g2_views(self.crs_g2@) =~= g2_powers(g2v, secret@, 0));
        let mut i: usize = 0;
        while i < count
            invariant
                i <= count,
                count == self.degree + 1,
                self.degree == old(self).degree,
                self.g1@ == g1v,
                self.g2@ == g2v,
                self.crs_g1@.len() == i,
                self.crs_g2@.len() == i,
                g1_views(self.crs_g1@) == g1_powers(g1v, secret@, i as nat),
                g2_views(self.crs_g2@) == g2_powers(g2v, secret@, i as nat),
            decreases count - i,
        {
            let power = secret.pow(i as u64);
            let a = self.g1.scale(&power);
            let b = self.g2.scale(&power);
            let ghost views1 = g1_views(self.crs_g1@);
            let ghost views2 = g2_views(self.crs_g2@);
            self.crs_g1.push(a);
            self.crs_g2.push(b);
            proof {
                assert(g1_views(self.crs_g1@) =~= views1.push(a@));
                assert(g2_views(self.crs_g2@) =~= views2.push(b@));
                assert(views1.push(a@) =~= g1_powers(g1v, secret@, (i + 1) as nat));
                assert(views2.push(b@) =~= g2_powers(g2v, secret@, (i + 1) as nat));
            }
            i += 1;
        }
        self.g2_tau = self.g2.scale(&secret);
    }

    /// The commitment to a polynomial: the sum of `crs_g1[i] * poly[i]`.
    ///
    /// Refused with `InvalidInput` when the polynomial has more coefficients
    /// than the reference string can take.
    pub fn commit(&self, poly: &[Scalar]) -> (r: Result<G1Point, KzgError>)
        ensures
            poly.len() > self.limit() ==> r == Err::<G1Point, KzgError>(KzgError::InvalidInput),
            poly.len() <= self.limit() ==> r is Ok && r->Ok_0@ == self.g1_commitment(
                as_nats(poly@),
            ),
    {
        if poly.len() > self.capacity() {
            return Err(KzgError::InvalidInput);
        }
        Ok(combine_g1(&self.g1, &self.crs_g1, poly))
    }

    /// The proof that the polynomial takes its value at `point`: the
    /// commitment to the quotient of the polynomial minus that value by
    /// `x - point`.
    ///
    /// Refused with `InvalidInput` when the polynomial has more coefficients
    /// than the reference string can take, or the reference string is empty.
    /// The division is exact: the opened point is a root of the numerator.
    pub fn open(&self, poly: &[Scalar], point: Scalar) -> (r: Result<G1Point, KzgError>)
        ensures
            self.open_refusal(as_nats(poly@)) matches Some(e) ==> r == Err::<G1Point, KzgError>(e),
            self.open_refusal(as_nats(poly@)) is None ==> r is Ok && r->Ok_0@
                == self.g1_commitment(open_quotient(as_nats(poly@), point@)),
            r is Ok ==> is_zero_poly(
                poly_rem(open_numerator(as_nats(poly@), point@), root_factor(point@)),
            ),
    {
        let cap = self.capacity();
        if poly.len() > cap || cap == 0 {
            return Err(KzgError::InvalidInput);
        }
        let value = evaluate(poly, point);
        let mut numerator = to_vec(poly);
        proof {
            use_type_invariant(&point);
            lemma_open_exact(as_nats(poly@), point@);
        }
        if poly.len() > 0 {
            let first = poly[0].sub(&value);
            numerator.set(0, first);
        }
        assert(as_nats(numerator@) =~= open_numerator(as_nats(poly@), point@));
        let mut denominator: Vec<Scalar> = Vec::new();
        denominator.push(point.neg());
        denominator.push(Scalar::one());
        assert(as_nats(denominator@) =~= root_factor(point@));
        proof {
            assert(root_factor(point@)[1] == 1);
            lemma_trimmed_full(as_nats(denominator@));
            lemma_poly_div_len(as_nats(numerator@), as_nats(denominator@));
        }
        match div(numerator.as_slice(), denominator.as_slice()) {
            Ok(quotient) => {
                assert(as_nats(quotient@).len() == quotient.len());
                Ok(combine_g1(&self.g1, &self.crs_g1, quotient.as_slice()))
            },
            Err(e) => Err(e),
        }
    }

    /// The interpolation through the polynomial's values at the points, cut or
    /// padded with zeros to the polynomial's length.
    ///
    /// Refused with `DuplicateEvaluationPoint` when two points coincide.
    pub fn get_lagrange(&self, poly: &[Scalar], points: &[Scalar]) -> (r: Result<
        Vec<Scalar>,
        KzgError,
    >)
        requires
            points.len() + 2 <= usize::MAX,
        ensures
            !distinct(as_nats(points@)) ==> r == Err::<Vec<Scalar>, KzgError>(
                KzgError::DuplicateEvaluationPoint,
            ),
            distinct(as_nats(points@)) ==> r is Ok && as_nats(r->Ok_0@) == lagrange_of(
                as_nats(poly@),
                as_nats(points@),
            ),
            r is Ok ==> r->Ok_0.len() == poly.len(),
            r is Ok ==> denominators_invertible(as_nats(points@), points.len() as nat)
                && all_reduced(as_nats(points@)),
    {
        let vals = evaluate_all(poly, points);
        match interpolate(points, vals.as_slice()) {
            Ok(lagrange) => Ok(resize(lagrange.as_slice(), poly.len())),
            Err(e) => Err(e),
        }
    }

    /// The proof that the polynomial takes its values at all the points: the
    /// commitment to the quotient of the polynomial minus its interpolation by
    /// the vanishing polynomial of the points.
    ///
    /// Refused with `InvalidInput` when there is no point, when the polynomial
    /// has more coefficients than the reference string can take or the
    /// reference string is empty, and with `DuplicateEvaluationPoint` when two
    /// points coincide. The division is exact: every point is a root of the
    /// numerator.
    pub fn multi_open(&self, poly: &[Scalar], points: &[Scalar]) -> (r: Result<G1Point, KzgError>)
        requires
            points.len() + 2 <= usize::MAX,
        ensures
            self.multi_open_refusal(as_nats(poly@), as_nats(points@)) matches Some(e) ==> r
                == Err::<G1Point, KzgError>(e),
            self.multi_open_refusal(as_nats(poly@), as_nats(points@)) is None ==> r is Ok
                && r->Ok_0@ == self.g1_commitment(
                multi_open_quotient(as_nats(poly@), as_nats(points@)),
            ),
            r is Ok ==> is_zero_poly(
                poly_rem(
                    poly_sub(as_nats(poly@), lagrange_of(as_nats(poly@), as_nats(points@))),
                    vanishing(as_nats(points@), points.len() as nat),
                ),
            ),
    {
        let cap = self.capacity();
        if points.len() == 0 || poly.len() > cap || cap == 0 {
            return Err(KzgError::InvalidInput);
        }
        let lagrange = match self.get_lagrange(poly, points) {
            Ok(l) => l,
            Err(e) => {
                return Err(e);
            },
        };
        let zero_poly = vanishing_poly(points);
        let numerator = crate::poly::sub(poly, lagrange.as_slice());
        proof {
            lemma_multi_open_exact(as_nats(poly@), as_nats(points@));
            lemma_vanishing_monic(as_nats(points@), points.len() as nat);
            lemma_modulus_positive();
            let z = as_nats(zero_poly@);
            assert(z[z.len() - 1] == 1);
            assert(!is_zero_poly(z));
            lemma_trimmed_full(z);
            lemma_poly_div_len(as_nats(numerator@), z);
            assert(as_nats(numerator@).len() == numerator.len());
        }
        match div(numerator.as_slice(), zero_poly.as_slice()) {
            Ok(quotient) => {
                assert(as_nats(quotient@).len() == quotient.len());
                Ok(combine_g1(&self.g1, &self.crs_g1, quotient.as_slice()))
            },
            Err(e) => Err(e),
        }
    }

    /// Whether `pi` proves that the committed polynomial takes `value` at
    /// `point`: the pairing of the proof with `g2_tau - g2 * point` against
    /// the pairing of `commitment - g1 * value` with `g2`.
    pub fn verify(&self, point: Scalar, value: Scalar, commitment: G1Point, pi: G1Point) -> (b:
        bool)
        ensures
            b == self.verify_equation(point@, value@, commitment@, pi@),
    {
        let shift = self.g2.scale(&point);
        let divisor = self.g2_tau.sub(&shift);
        let lhs = pairing(&pi, &divisor);
        let claimed = self.g1.scale(&value);
        let rest = commitment.sub(&claimed);
        let rhs = pairing(&rest, &self.g2);
        lhs.equals(&rhs)
    }

    /// Whether `pi` proves that the committed polynomial takes `vals[i]` at
    /// `points[i]` for every `i`: the pairing of the proof with the second-group
    /// commitment to the vanishing polynomial against the pairing of
    /// `commitment` minus the commitment to the interpolation with `g2`.
    ///
    /// Refused with `InvalidInput` when there is no point, when the numbers of
    /// points and values differ or the reference string is too short for the
    /// vanishing polynomial, and with `DuplicateEvaluationPoint` when two
    /// points coincide.
    pub fn verify_multi(
        &self,
        points: &[Scalar],
        vals: &[Scalar],
        commitment: G1Point,
        pi: G1Point,
    ) -> (r: Result<bool, KzgError>)
        requires
            points.len() + 2 <= usize::MAX,
        ensures
            self.verify_multi_refusal(as_nats(points@), as_nats(vals@)) matches Some(e) ==> r
                == Err::<bool, KzgError>(e),
            self.verify_multi_refusal(as_nats(points@), as_nats(vals@)) is None ==> r == Ok::<
                bool,
                KzgError,
            >(self.verify_multi_equation(as_nats(points@), as_nats(vals@), commitment@, pi@)),
    {
        let cap = self.capacity();
        if points.len() == 0 || points.len() != vals.len() || points.len() >= cap {
            return Err(KzgError::InvalidInput);
        }
        let lagrange = match interpolate(points, vals) {
            Ok(l) => l,
            Err(e) => {
                return Err(e);
            },
        };
        let zero_poly = vanishing_poly(points);
        proof {
            assert(as_nats(zero_poly@).len() == zero_poly.len());
            assert(as_nats(lagrange@).len() == lagrange.len());
            crate::poly::lemma_interpolate_len(as_nats(points@), as_nats(vals@), points.len() as nat);
        }
        let zero_commitment = combine_g2(&self.g2, &self.crs_g2, zero_poly.as_slice());
        let lagrange_commitment = combine_g1(&self.g1, &self.crs_g1, lagrange.as_slice());
        let lhs = pairing(&pi, &zero_commitment);
        let rest = commitment.sub(&lagrange_commitment);
        let rhs = pairing(&rest, &self.g2);
        Ok(lhs.equals(&rhs))
    }
}

} // verus!
